//! The per-document import pipeline: split a WET stream into
//! documents, detect each document's language, split off the title,
//! canonicalize and pair the tokens, and apply the acceptance rules:
//! a title longer than 250 bytes is cleared, and a document with fewer
//! than ten distinct canonical body tokens is dropped.
use crate::canon::{canonicalize, spec_canonicalize};
use crate::lang::{detect_lang, detected_lang_of, spec_supported, LangCode};
use crate::order::strictly_sorted_words;
use crate::query::words_set;
use vstd::prelude::*;
use vstd::utf8::{decode_utf8, encode_utf8};

verus! {

/// Whether a character is whitespace for tokenization.
///
/// This is Unicode's White_Space property, too large to restate here;
/// the name stands for whatever `char::is_whitespace` decides.
pub uninterp spec fn is_space_char(c: char) -> bool;

/// Relies on `char::is_whitespace` (std): the answer depends on the
/// character alone.
#[verifier::external_body]
fn char_is_space(c: char) -> (r: bool)
    ensures
        r == is_space_char(c),
{
    c.is_whitespace()
}

/// The index of the first whitespace character, or the length.
pub open spec fn first_space(s: Seq<char>) -> int
    decreases s.len(),
{
    if s.len() == 0 {
        0
    } else if is_space_char(s[0]) {
        0
    } else {
        1 + first_space(s.drop_first())
    }
}

/// The number of leading whitespace characters.
pub open spec fn leading_space(s: Seq<char>) -> int
    decreases s.len(),
{
    if s.len() == 0 {
        0
    } else if is_space_char(s[0]) {
        1 + leading_space(s.drop_first())
    } else {
        0
    }
}

proof fn lemma_first_space(s: Seq<char>)
    ensures
        0 <= first_space(s) <= s.len(),
        forall|t: int| 0 <= t < first_space(s) ==> !is_space_char(#[trigger] s[t]),
        first_space(s) < s.len() ==> is_space_char(s[first_space(s)]),
    decreases s.len(),
{
    if s.len() > 0 && !is_space_char(s[0]) {
        lemma_first_space(s.drop_first());
        assert forall|t: int| 0 <= t < first_space(s) implies !is_space_char(
            #[trigger] s[t],
        ) by {
            if t > 0 {
                assert(s[t] == s.drop_first()[t - 1]);
            }
        }
        if first_space(s) < s.len() {
            assert(s[first_space(s)] == s.drop_first()[first_space(s.drop_first())]);
        }
    }
}

proof fn lemma_leading_space(s: Seq<char>)
    ensures
        0 <= leading_space(s) <= s.len(),
        forall|t: int| 0 <= t < leading_space(s) ==> is_space_char(#[trigger] s[t]),
        leading_space(s) < s.len() ==> !is_space_char(s[leading_space(s)]),
    decreases s.len(),
{
    if s.len() > 0 && is_space_char(s[0]) {
        lemma_leading_space(s.drop_first());
        assert forall|t: int| 0 <= t < leading_space(s) implies is_space_char(
            #[trigger] s[t],
        ) by {
            if t > 0 {
                assert(s[t] == s.drop_first()[t - 1]);
            }
        }
        if leading_space(s) < s.len() {
            assert(s[leading_space(s)] == s.drop_first()[leading_space(s.drop_first())]);
        }
    }
}

/// The whitespace-separated tokens of a character sequence.
pub open spec fn tokens_of(s: Seq<char>) -> Seq<Seq<char>>
    decreases s.len(),
{
    let lead = leading_space(s);
    if lead < 0 || lead > s.len() {
        Seq::empty()
    } else {
        let rest = s.skip(lead);
        if rest.len() == 0 {
            Seq::empty()
        } else {
            let end = first_space(rest);
            if end <= 0 || end > rest.len() {
                Seq::empty()
            } else {
                seq![rest.take(end)] + tokens_of(rest.skip(end))
            }
        }
    }
}


/// The character view of a token list.
pub open spec fn tokens_view(ts: Seq<String>) -> Seq<Seq<char>> {
    ts.map_values(|t: String| t@)
}

/// Splits a string into its whitespace-separated tokens.
#[verifier::loop_isolation(false)]
#[verifier::rlimit(60)]
pub fn split_tokens(s: &str) -> (r: Vec<String>)
    ensures
        tokens_view(r@) == tokens_of(s@),
    decreases s@.len(),
{
    let n = s.unicode_len();
    let mut out: Vec<String> = Vec::new();
    let mut pos: usize = 0;
    let ghost whole = s@;
    proof {
        assert(tokens_view(out@) =~= Seq::<Seq<char>>::empty());
        assert(whole.skip(0) =~= whole);
        assert forall|tail: Seq<Seq<char>>|
            tokens_of(whole.skip(0)) == tail implies tokens_of(whole) == #[trigger] (
            tokens_view(out@) + tail) by {
            assert(tokens_view(out@) + tail =~= tail);
        }
    }
    while pos < n
        invariant
            0 <= pos <= n,
            n == whole.len(),
            whole == s@,
            forall|tail: Seq<Seq<char>>|
                tokens_of(whole.skip(pos as int)) == tail ==> tokens_of(whole) == #[trigger] (
                tokens_view(out@) + tail),
        decreases n - pos,
    {
        let ghost rem = whole.skip(pos as int);
        proof {
            lemma_leading_space(rem);
        }
        // skip leading whitespace
        let mut i = pos;
        while i < n && char_is_space(s.get_char(i))
            invariant
                pos <= i <= n,
                forall|t: int| pos <= t < i ==> is_space_char(#[trigger] whole[t]),
            decreases n - i,
        {
            i = i + 1;
        }
        proof {
            assert(forall|t: int| 0 <= t < rem.len() ==> rem[t] == whole[pos + t]);
            assert(leading_space(rem) == i - pos) by {
                if leading_space(rem) < i - pos {
                    assert(is_space_char(whole[pos + leading_space(rem)]));
                    assert(is_space_char(rem[leading_space(rem)]));
                } else if leading_space(rem) > i - pos {
                    assert(is_space_char(rem[i - pos]));
                    assert(i < n && is_space_char(whole[i as int]));
                }
            }
        }
        if i >= n {
            proof {
                assert(rem.skip(leading_space(rem)).len() == 0);
                assert(tokens_of(rem) =~= Seq::<Seq<char>>::empty());
                let acc = tokens_view(out@);
                assert(tokens_of(whole) == acc + tokens_of(rem));
                assert(acc + tokens_of(rem) =~= acc);
                assert(whole.skip(n as int).len() == 0);
                assert(leading_space(whole.skip(n as int)) == 0);
                assert(tokens_of(whole.skip(n as int)) =~= Seq::<Seq<char>>::empty());
            }
            pos = n;
        } else {
            let ghost word_area = rem.skip(leading_space(rem));
            proof {
                lemma_first_space(word_area);
                assert(forall|t: int|
                    0 <= t < word_area.len() ==> word_area[t] == whole[i + t]);
                assert(word_area.len() > 0);
                assert(!is_space_char(word_area[0]));
                assert(first_space(word_area) > 0) by {
                    if first_space(word_area) == 0 {
                        assert(is_space_char(word_area[0]));
                    }
                }
            }
            // take the token
            let mut j = i;
            while j < n && !char_is_space(s.get_char(j))
                invariant
                    i <= j <= n,
                    forall|t: int| i <= t < j ==> !is_space_char(#[trigger] whole[t]),
                decreases n - j,
            {
                j = j + 1;
            }
            proof {
                assert(first_space(word_area) == j - i) by {
                    if first_space(word_area) < j - i {
                        assert(is_space_char(word_area[first_space(word_area)]));
                        assert(!is_space_char(whole[i + first_space(word_area)]));
                    } else if first_space(word_area) > j - i {
                        assert(!is_space_char(word_area[j - i]));
                        assert(j < n && is_space_char(whole[j as int]));
                    }
                }
            }
            let mut tok_chars: Vec<char> = Vec::new();
            let mut t = i;
            proof {
                assert(tok_chars@ =~= whole.subrange(i as int, i as int));
            }
            while t < j
                invariant
                    i <= t <= j <= n,
                    tok_chars@ == whole.subrange(i as int, t as int),
                decreases j - t,
            {
                tok_chars.push(s.get_char(t));
                proof {
                    assert(tok_chars@ =~= whole.subrange(i as int, t + 1));
                }
                t = t + 1;
            }
            let tok = crate::canon::chars_to_string(&tok_chars);
            let ghost acc0 = tokens_view(out@);
            out.push(tok);
            proof {
                let acc1 = tokens_view(out@);
                assert(acc1 =~= acc0.push(tok@));
                assert(tok@ =~= word_area.take(first_space(word_area)));
                assert(whole.skip(j as int) =~= word_area.skip(first_space(word_area)));
                assert(tokens_of(rem) == seq![word_area.take(first_space(word_area))]
                    + tokens_of(word_area.skip(first_space(word_area))));
                assert forall|tail: Seq<Seq<char>>|
                    tokens_of(whole.skip(j as int)) == tail implies tokens_of(whole)
                    == #[trigger] (acc1 + tail) by {
                    assert(tokens_of(rem) == seq![tok@] + tail);
                    assert(acc0 + (seq![tok@] + tail) =~= acc1 + tail);
                }
            }
            pos = j;
        }
    }
    proof {
        assert(whole.skip(n as int).len() == 0);
        assert(leading_space(whole.skip(n as int)) == 0);
        assert(tokens_of(whole.skip(n as int)) =~= Seq::<Seq<char>>::empty());
        let accf = tokens_view(out@);
        assert(accf + Seq::<Seq<char>>::empty() =~= accf);
    }
    out
}



/// The index of the first newline character, or the length.
pub open spec fn first_nl_char(s: Seq<char>) -> int
    decreases s.len(),
{
    if s.len() == 0 {
        0
    } else if s[0] == '\n' {
        0
    } else {
        1 + first_nl_char(s.drop_first())
    }
}

proof fn lemma_first_nl_char(s: Seq<char>)
    ensures
        0 <= first_nl_char(s) <= s.len(),
        forall|t: int| 0 <= t < first_nl_char(s) ==> (#[trigger] s[t]) != '\n',
        first_nl_char(s) < s.len() ==> s[first_nl_char(s)] == '\n',
    decreases s.len(),
{
    if s.len() > 0 && s[0] != '\n' {
        lemma_first_nl_char(s.drop_first());
        assert forall|t: int| 0 <= t < first_nl_char(s) implies (#[trigger] s[t]) != '\n' by {
            if t > 0 {
                assert(s[t] == s.drop_first()[t - 1]);
            }
        }
        if first_nl_char(s) < s.len() {
            assert(s[first_nl_char(s)] == s.drop_first()[first_nl_char(s.drop_first())]);
        }
    }
}

/// Where the title ends: at the first newline, or nowhere.
pub open spec fn spec_title_end(content: Seq<char>) -> int {
    if first_nl_char(content) < content.len() {
        first_nl_char(content)
    } else {
        0
    }
}

/// The title characters: the prefix before the first newline, cleared
/// when longer than 250 bytes.
pub open spec fn spec_title_chars(content: Seq<char>) -> Seq<char> {
    let raw = content.take(spec_title_end(content));
    if encode_utf8(raw).len() <= 250 {
        raw
    } else {
        Seq::empty()
    }
}

/// The canonical single tokens of a text, as bytes.
pub open spec fn canon_token_bytes(s: Seq<char>) -> Seq<Seq<u8>> {
    tokens_of(s).filter_map(|w: Seq<char>| spec_canonicalize(w)).map_values(
        |t: Seq<char>| encode_utf8(t),
    )
}

/// The number of distinct words in a list.
pub open spec fn distinct_count(ws: Seq<Seq<u8>>) -> int
    decreases ws.len(),
{
    if ws.len() == 0 {
        0
    } else {
        distinct_count(ws.drop_last()) + if ws.drop_last().contains(ws.last()) {
            0int
        } else {
            1int
        }
    }
}

/// The indexed words of a document part: all canonical tokens and
/// pairs, as a set of byte strings.
pub open spec fn spec_part_words(s: Seq<char>) -> Set<Seq<u8>> {
    crate::query::words_set(
        crate::query::spec_query_terms(tokens_of(s)).map_values(|t: Seq<char>| encode_utf8(t)),
    )
}

/// Whether a document is kept: its language must be supported and its
/// body must carry at least ten distinct canonical tokens.
pub open spec fn spec_doc_accepted(content: Seq<char>) -> bool {
    &&& detected_lang_of(content) matches Some(l) && spec_supported(l)
    &&& distinct_count(canon_token_bytes(content.skip(spec_title_end(content)))) >= 10
}

/// One processed document: its language and its sorted, deduplicated
/// title and body words.
pub struct Page {
    pub lang: LangCode,
    pub title: Vec<Vec<u8>>,
    pub words: Vec<Vec<u8>>,
}

impl Page {
    /// The processed form of a document with the given content.
    pub open spec fn matches(&self, content: Seq<char>) -> bool {
        &&& Some(self.lang) == detected_lang_of(content)
        &&& strictly_sorted_words(self.title@.map_values(|v: Vec<u8>| v@))
        &&& strictly_sorted_words(self.words@.map_values(|v: Vec<u8>| v@))
        &&& crate::query::words_set(self.title@.map_values(|v: Vec<u8>| v@)) == spec_part_words(
            spec_title_chars(content),
        )
        &&& crate::query::words_set(self.words@.map_values(|v: Vec<u8>| v@)) == spec_part_words(
            content.skip(spec_title_end(content)),
        )
    }
}

/// Builds the sorted deduplicated canonical tokens of a token list and
/// returns how many distinct canonical tokens there were.
#[verifier::loop_isolation(false)]
fn distinct_canon_count(tokens: &Vec<String>) -> (r: usize)
    ensures
        r == distinct_count(
            tokens_view(tokens@).filter_map(|w: Seq<char>| spec_canonicalize(w)).map_values(
                |t: Seq<char>| encode_utf8(t),
            ),
        ),
{
    let ghost ws = tokens_view(tokens@);
    let ghost full = ws.filter_map(|w: Seq<char>| spec_canonicalize(w)).map_values(
        |t: Seq<char>| encode_utf8(t),
    );
    let n = tokens.len();
    let mut seen: Vec<Vec<u8>> = Vec::new();
    let mut i: usize = 0;
    proof {
        assert(ws.take(0).filter_map(|w: Seq<char>| spec_canonicalize(w)) =~= Seq::<
            Seq<char>,
        >::empty());
        assert(crate::query::words_set(seen@.map_values(|v: Vec<u8>| v@)) =~= crate::query::words_set(
            ws.take(0).filter_map(|w: Seq<char>| spec_canonicalize(w)).map_values(
                |t: Seq<char>| encode_utf8(t),
            ),
        ));
    }
    while i < n
        invariant
            0 <= i <= n,
            n == tokens@.len(),
            ws == tokens_view(tokens@),
            strictly_sorted_words(seen@.map_values(|v: Vec<u8>| v@)),
            crate::query::words_set(seen@.map_values(|v: Vec<u8>| v@)) == crate::query::words_set(
                ws.take(i as int).filter_map(|w: Seq<char>| spec_canonicalize(w)).map_values(
                    |t: Seq<char>| encode_utf8(t),
                ),
            ),
            seen@.len() == distinct_count(
                ws.take(i as int).filter_map(|w: Seq<char>| spec_canonicalize(w)).map_values(
                    |t: Seq<char>| encode_utf8(t),
                ),
            ),
        decreases n - i,
    {
        proof {
            ws.lemma_filter_map_take_succ(|w: Seq<char>| spec_canonicalize(w), i as int);
        }
        let ghost pre = ws.take(i as int).filter_map(|w: Seq<char>| spec_canonicalize(w))
            .map_values(|t: Seq<char>| encode_utf8(t));
        let ghost post = ws.take(i + 1).filter_map(|w: Seq<char>| spec_canonicalize(w))
            .map_values(|t: Seq<char>| encode_utf8(t));
        match canonicalize(tokens[i].as_str()) {
            Some(c) => {
                let cb = c.as_str().as_bytes_vec();
                proof {
                    assert(post =~= pre.push(encode_utf8(c@)));
                    assert(post.drop_last() =~= pre);
                    assert(distinct_count(post) == distinct_count(pre) + (if pre.contains(
                        cb@,
                    ) {
                        0int
                    } else {
                        1int
                    }));
                    assert(pre.contains(cb@) == crate::query::words_set(
                        seen@.map_values(|v: Vec<u8>| v@),
                    ).contains(cb@)) by {
                        if pre.contains(cb@) {
                            let u = choose|u: int| 0 <= u < pre.len() && pre[u] == cb@;
                        }
                        if crate::query::words_set(seen@.map_values(|v: Vec<u8>| v@)).contains(
                            cb@,
                        ) {
                            let u = choose|u: int|
                                0 <= u < pre.len() && #[trigger] pre[u] == cb@;
                        }
                    }
                }
                crate::query::insert_sorted(&mut seen, cb);
                proof {
                    assert(crate::query::words_set(seen@.map_values(|v: Vec<u8>| v@)) =~=
                        crate::query::words_set(post)) by {
                        assert forall|x: Seq<u8>|
                            crate::query::words_set(seen@.map_values(|v: Vec<u8>| v@)).contains(
                                x,
                            ) implies crate::query::words_set(post).contains(x) by {
                            if crate::query::words_set(pre).contains(x) {
                                let u = choose|u: int|
                                    0 <= u < pre.len() && #[trigger] pre[u] == x;
                                assert(post[u] == x);
                            } else {
                                assert(post[post.len() - 1] == x);
                            }
                        }
                        assert forall|x: Seq<u8>|
                            crate::query::words_set(post).contains(x) implies
                            crate::query::words_set(seen@.map_values(|v: Vec<u8>| v@)).contains(
                                x,
                            ) by {
                            let u = choose|u: int|
                                0 <= u < post.len() && #[trigger] post[u] == x;
                            if u < pre.len() {
                                assert(pre[u] == x);
                                assert(crate::query::words_set(pre).contains(x));
                            }
                        }
                    }
                }
            },
            None => {
                proof {
                    assert(post =~= pre);
                }
            },
        }
        i = i + 1;
    }
    proof {
        assert(ws.take(n as int) =~= ws);
    }
    seen.len()
}


/// Builds the string of a character range of `s`.
#[verifier::loop_isolation(false)]
fn substring_chars(s: &str, from: usize, to: usize) -> (r: String)
    requires
        from <= to <= s@.len(),
    ensures
        r@ == s@.subrange(from as int, to as int),
{
    let mut chars: Vec<char> = Vec::new();
    let mut t = from;
    proof {
        assert(chars@ =~= s@.subrange(from as int, from as int));
    }
    while t < to
        invariant
            from <= t <= to,
            chars@ == s@.subrange(from as int, t as int),
        decreases to - t,
    {
        chars.push(s.get_char(t));
        proof {
            assert(chars@ =~= s@.subrange(from as int, t + 1));
        }
        t = t + 1;
    }
    crate::canon::chars_to_string(&chars)
}

/// Processes one document: detect its language, split off the title,
/// canonicalize and pair both parts, and apply the acceptance rules.
#[verifier::loop_isolation(false)]
pub fn process_document(url: String, content: String) -> (r: Option<(String, Page)>)
    ensures
        r is Some <==> spec_doc_accepted(content@),
        r matches Some(p) ==> p.0@ == url@ && p.1.matches(content@),
{
    let lang = match detect_lang(content.as_str()) {
        Some(l) => l,
        None => {
            return None;
        },
    };
    if !crate::lang::lang_is_supported(lang) {
        return None;
    }
    // split off the title at the first newline
    let n = content.as_str().unicode_len();
    let mut e: usize = 0;
    proof {
        lemma_first_nl_char(content@);
    }
    while e < n && content.as_str().get_char(e) != '\n'
        invariant
            0 <= e <= n,
            n == content@.len(),
            forall|t: int| 0 <= t < e ==> (#[trigger] content@[t]) != '\n',
        decreases n - e,
    {
        e = e + 1;
    }
    proof {
        assert(first_nl_char(content@) == e) by {
            if first_nl_char(content@) < e {
                assert(content@[first_nl_char(content@)] == '\n');
            } else if first_nl_char(content@) > e {
                assert(e < n && content@[e as int] == '\n');
            }
        }
    }
    let title_end: usize = if e < n {
        e
    } else {
        0
    };
    let raw_title = substring_chars(content.as_str(), 0, title_end);
    let title_str = if raw_title.as_str().as_bytes().len() <= 250 {
        raw_title
    } else {
        String::new()
    };
    proof {
        assert(content@.take(spec_title_end(content@)) =~= content@.subrange(
            0,
            title_end as int,
        ));
        assert(title_str@ == spec_title_chars(content@));
    }
    let body_str = substring_chars(content.as_str(), title_end, n);
    proof {
        assert(body_str@ =~= content@.skip(spec_title_end(content@)));
    }
    // the body must carry at least ten distinct canonical tokens
    let body_tokens = split_tokens(body_str.as_str());
    let distinct = distinct_canon_count(&body_tokens);
    if distinct < 10 {
        return None;
    }
    let title_tokens = split_tokens(title_str.as_str());
    let title_words = crate::query::canonical_terms(&title_tokens);
    let body_words = crate::query::canonical_terms(&body_tokens);
    Some((url, Page { lang, title: title_words, words: body_words }))
}

/// What decompressing a gzip stream yields, if it is well-formed.
///
/// Gzip decoding is a large pure function of the bytes alone; this
/// name stands for whatever `flate2`'s multi-member decoder yields,
/// with `None` for streams it rejects.
pub uninterp spec fn gunzip_of(b: Seq<u8>) -> Option<Seq<u8>>;

/// Relies on `flate2::read::MultiGzDecoder`: decompression of an
/// in-memory buffer depends on the bytes alone; a malformed stream is
/// an error.
#[verifier::external_body]
fn gunzip(bytes: &Vec<u8>) -> (r: Option<Vec<u8>>)
    ensures
        r matches Some(v) ==> gunzip_of(bytes@) == Some(v@),
        r is None ==> gunzip_of(bytes@) is None,
{
    let mut out = Vec::new();
    let mut dec = flate2::read::MultiGzDecoder::new(&bytes[..]);
    match std::io::Read::read_to_end(&mut dec, &mut out) {
        Ok(_) => Some(out),
        Err(_) => None,
    }
}

/// The content bytes of a source file: gunzipped when the file is
/// compressed.
pub open spec fn spec_source_data(bytes: Seq<u8>, gz: bool) -> Option<Seq<u8>> {
    if gz {
        gunzip_of(bytes)
    } else {
        Some(bytes)
    }
}

/// Whether a parsed document survives processing.
pub open spec fn spec_doc_kept(d: (Seq<u8>, Seq<u8>)) -> bool {
    spec_doc_accepted(decode_utf8(d.1))
}

/// Loads one source file's bytes into its accepted documents: gunzip
/// if compressed, slice into WET conversion records, and process each
/// document, keeping those in a supported language with enough
/// distinct body tokens.
#[verifier::loop_isolation(false)]
#[verifier::rlimit(60)]
pub fn load_source(bytes: &Vec<u8>, gz: bool) -> (r: Result<
    Vec<(String, Page)>,
    crate::errors::StrError,
>)
    ensures
        r matches Ok(pages) ==> spec_source_data(bytes@, gz) matches Some(db)
            && crate::wet::spec_documents(db) matches Some(docs) && {
            let kept = docs.filter(|d: (Seq<u8>, Seq<u8>)| spec_doc_kept(d));
            &&& pages@.len() == kept.len()
            &&& forall|k: int|
                0 <= k < pages@.len() ==> encode_utf8((#[trigger] pages@[k]).0@) == kept[k].0
                    && pages@[k].1.matches(decode_utf8(kept[k].1))
        },
        r is Err ==> spec_source_data(bytes@, gz) is None || (spec_source_data(bytes@, gz)
            matches Some(db2) && crate::wet::spec_documents(db2) is None),
{
    let data: Vec<u8> = if gz {
        match gunzip(bytes) {
            Some(v) => v,
            None => {
                return Err(crate::errors::StrError::new("malformed gzip stream"));
            },
        }
    } else {
        bytes.clone()
    };
    let docs = match crate::wet::wet_documents(&data) {
        Ok(d) => d,
        Err(e) => {
            return Err(e);
        },
    };
    let ghost dviews = crate::wet::docs_view(docs@);
    let mut pages: Vec<(String, Page)> = Vec::new();
    let nd = docs.len();
    let mut k: usize = 0;
    proof {
        reveal(Seq::filter);
        assert(dviews.take(0) =~= Seq::<(Seq<u8>, Seq<u8>)>::empty());
        assert(dviews.take(0).filter(|d: (Seq<u8>, Seq<u8>)| spec_doc_kept(d)) =~= Seq::<
            (Seq<u8>, Seq<u8>),
        >::empty());
    }
    while k < nd
        invariant
            0 <= k <= nd,
            nd == docs@.len(),
            dviews == crate::wet::docs_view(docs@),
            pages@.len() == dviews.take(k as int).filter(
                |d: (Seq<u8>, Seq<u8>)| spec_doc_kept(d),
            ).len(),
            forall|t: int|
                0 <= t < pages@.len() ==> encode_utf8((#[trigger] pages@[t]).0@)
                    == dviews.take(k as int).filter(|d: (Seq<u8>, Seq<u8>)| spec_doc_kept(d))[t].0
                    && pages@[t].1.matches(
                    decode_utf8(
                        dviews.take(k as int).filter(
                            |d: (Seq<u8>, Seq<u8>)| spec_doc_kept(d),
                        )[t].1,
                    ),
                ),
        decreases nd - k,
    {
        let ghost keepf = |d: (Seq<u8>, Seq<u8>)| spec_doc_kept(d);
        let ghost pre = dviews.take(k as int).filter(keepf);
        proof {
            assert(dviews.take(k as int).push(dviews[k as int]) =~= dviews.take(k + 1));
            dviews.take(k as int).lemma_filter_push(dviews[k as int], keepf);
            assert(dviews[k as int] == (encode_utf8(docs@[k as int].0@), encode_utf8(
                docs@[k as int].1@,
            )));
            vstd::utf8::encode_utf8_decode_utf8(docs@[k as int].1@);
            vstd::utf8::encode_utf8_decode_utf8(docs@[k as int].0@);
        }
        let url = docs[k].0.clone();
        let content = docs[k].1.clone();
        match process_document(url, content) {
            Some(p) => {
                pages.push(p);
                proof {
                    assert(spec_doc_kept(dviews[k as int]));
                    let post = dviews.take(k + 1).filter(keepf);
                    assert(post =~= pre.push(dviews[k as int]));
                    assert forall|t: int|
                        0 <= t < pages@.len() implies encode_utf8((#[trigger] pages@[t]).0@)
                        == post[t].0 && pages@[t].1.matches(decode_utf8(post[t].1)) by {
                        if t < pages@.len() - 1 {
                            assert(post[t] == pre[t]);
                        } else {
                            assert(post[t] == dviews[k as int]);
                        }
                    }
                }
            },
            None => {
                proof {
                    assert(!spec_doc_kept(dviews[k as int]));
                    assert(dviews.take(k + 1).filter(keepf) =~= pre);
                }
            },
        }
        k = k + 1;
    }
    proof {
        assert(dviews.take(nd as int) =~= dviews);
    }
    Ok(pages)
}

} // verus!
