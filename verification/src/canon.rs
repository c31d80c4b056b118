//! Token canonicalization: punctuation stripping, lowercasing, the
//! length rules that decide whether a token is indexed at all, and
//! adjacent-word pair generation.
use vstd::prelude::*;
use vstd::seq_lib::*;
use vstd::string::*;
use vstd::utf8::*;

verus! {

/// True for characters that survive canonicalization (the stripped
/// punctuation set is removed).
pub open spec fn spec_is_canonical(c: char) -> bool {
    !(c == '.' || c == '\'' || c == '?' || c == '!' || c == ',' || c == '(' || c == ')'
        || c == '$' || c == '&' || c == '[' || c == ']' || c == '"' || c == ':' || c == ';'
        || c == '@' || c == '|')
}

/// Decides whether a character survives canonicalization.
pub fn is_canonical(x: &char) -> (r: bool)
    ensures
        r == spec_is_canonical(*x),
{
    let x = *x;
    !(x == '.' || x == '\'' || x == '?' || x == '!' || x == ',' || x == '(' || x == ')'
        || x == '$' || x == '&' || x == '[' || x == ']' || x == '"' || x == ':' || x == ';'
        || x == '@' || x == '|')
}

/// The lowercase expansion of one character.
///
/// Lowercasing is Unicode case mapping, far too large to restate here;
/// this name stands for whatever `char::to_lowercase` yields.
pub uninterp spec fn lower_of(c: char) -> Seq<char>;

/// Relies on `char::to_lowercase` (std): the lowercase mapping of a
/// character depends on that character alone, and yields one or more
/// characters.
#[verifier::external_body]
fn lower_char(c: char) -> (r: Vec<char>)
    ensures
        r@ == lower_of(c),
        r@.len() >= 1,
{
    c.to_lowercase().collect()
}

/// Relies on `String::from_utf8` (std): succeeds exactly on valid
/// UTF-8 input, returning the string those bytes encode.
#[verifier::external_body]
pub fn string_from_utf8(bytes: Vec<u8>) -> (r: Option<String>)
    ensures
        r matches Some(s) ==> encode_utf8(s@) == bytes@,
        valid_utf8(bytes@) ==> r is Some,
{
    String::from_utf8(bytes).ok()
}

/// Appends the UTF-8 encoding of one character.
fn encode_char_push(c: char, out: &mut Vec<u8>)
    ensures
        final(out)@ == old(out)@ + encode_scalar(c as u32),
{
    proof {
        char_is_scalar(c);
    }
    let u = c as u32;
    if u < 0x80 {
        out.push((u & 0x7F) as u8);
        assert(out@ =~= old(out)@ + encode_scalar(c as u32));
    } else if u < 0x800 {
        out.push(0xC0u8 | ((u >> 6) & 0x1F) as u8);
        out.push(0x80u8 | (u & 0x3F) as u8);
        assert(out@ =~= old(out)@ + encode_scalar(c as u32));
    } else if u < 0x10000 {
        out.push(0xE0u8 | ((u >> 12) & 0x0F) as u8);
        out.push(0x80u8 | ((u >> 6) & 0x3F) as u8);
        out.push(0x80u8 | (u & 0x3F) as u8);
        assert(out@ =~= old(out)@ + encode_scalar(c as u32));
    } else {
        out.push(0xF0u8 | ((u >> 18) & 0x7) as u8);
        out.push(0x80u8 | ((u >> 12) & 0x3F) as u8);
        out.push(0x80u8 | ((u >> 6) & 0x3F) as u8);
        out.push(0x80u8 | (u & 0x3F) as u8);
        assert(out@ =~= old(out)@ + encode_scalar(c as u32));
    }
}

/// `encode_utf8` distributes over pushing one character.
pub proof fn lemma_encode_utf8_push(s: Seq<char>, c: char)
    ensures
        encode_utf8(s.push(c)) == encode_utf8(s) + encode_scalar(c as u32),
    decreases s.len(),
{
    if s.len() == 0 {
        assert(s.push(c).drop_first() =~= s);
        assert(encode_utf8(s.push(c)) =~= encode_utf8(s) + encode_scalar(c as u32));
    } else {
        assert(s.push(c).drop_first() =~= s.drop_first().push(c));
        lemma_encode_utf8_push(s.drop_first(), c);
        assert(encode_utf8(s.push(c)) =~= encode_utf8(s) + encode_scalar(c as u32));
    }
}

/// Builds the string whose characters are exactly `cs`.
pub fn chars_to_string(cs: &Vec<char>) -> (s: String)
    ensures
        s@ == cs@,
{
    let mut bytes: Vec<u8> = Vec::new();
    let n = cs.len();
    let mut i: usize = 0;
    while i < n
        invariant
            0 <= i <= n,
            n == cs@.len(),
            bytes@ == encode_utf8(cs@.take(i as int)),
        decreases n - i,
    {
        encode_char_push(cs[i], &mut bytes);
        proof {
            assert(cs@.take(i as int).push(cs@[i as int]) =~= cs@.take(i + 1));
            lemma_encode_utf8_push(cs@.take(i as int), cs@[i as int]);
        }
        i = i + 1;
    }
    proof {
        assert(cs@.take(n as int) =~= cs@);
        encode_utf8_valid_utf8(cs@);
    }
    match string_from_utf8(bytes) {
        Some(s) => {
            proof {
                encode_utf8_decode_utf8(s@);
                encode_utf8_decode_utf8(cs@);
            }
            s
        },
        None => {
            proof {
                assert(false);
            }
            String::new()
        },
    }
}

/// The characters a token canonicalizes to: strip the punctuation set,
/// then lowercase what is left.
pub open spec fn canon_chars(s: Seq<char>) -> Seq<char> {
    s.filter(|c: char| spec_is_canonical(c)).flat_map(|c: char| lower_of(c))
}

/// Whether a token is accepted, and what it becomes: the original must
/// be 3..=24 bytes long and the stripped, lowercased result longer than
/// 2 bytes.
pub open spec fn spec_canonicalize(s: Seq<char>) -> Option<Seq<char>> {
    if 2 < encode_utf8(s).len() < 25 && encode_utf8(canon_chars(s)).len() > 2 {
        Some(canon_chars(s))
    } else {
        None
    }
}

/// Canonicalizes one token.
pub fn canonicalize(word: &str) -> (r: Option<String>)
    ensures
        r matches Some(s) ==> spec_canonicalize(word@) == Some(s@),
        r is None ==> spec_canonicalize(word@) is None,
{
    let len = word.as_bytes().len();
    if !(len > 2 && len < 25) {
        return None;
    }
    let n = word.unicode_len();
    let mut kept: Vec<char> = Vec::new();
    proof {
        let pred = |c: char| spec_is_canonical(c);
        let f = |c: char| lower_of(c);
        reveal(Seq::filter);
        assert(word@.take(0) =~= Seq::<char>::empty());
        assert(word@.take(0).filter(pred) =~= Seq::<char>::empty());
        assert(word@.take(0).filter(pred).map_values(f) =~= Seq::<Seq<char>>::empty());
        assert(word@.take(0).filter(pred).flat_map(f) =~= Seq::<char>::empty());
    }
    let mut i: usize = 0;
    while i < n
        invariant
            0 <= i <= n,
            n == word@.len(),
            kept@ == word@.take(i as int).filter(|c: char| spec_is_canonical(c)).flat_map(
                |c: char| lower_of(c),
            ),
        decreases n - i,
    {
        let c = word.get_char(i);
        proof {
            assert(word@.take(i as int).push(c) =~= word@.take(i + 1));
            word@.take(i as int).lemma_filter_push(c, |c: char| spec_is_canonical(c));
        }
        if is_canonical(&c) {
            let mut low = lower_char(c);
            proof {
                let pred = |c: char| spec_is_canonical(c);
                let f = |c: char| lower_of(c);
                word@.take(i as int).filter(pred).lemma_flat_map_push(f, c);
            }
            kept.append(&mut low);
        }
        i = i + 1;
    }
    proof {
        assert(word@.take(n as int) =~= word@);
    }
    let out = chars_to_string(&kept);
    if out.as_str().as_bytes().len() > 2 {
        Some(out)
    } else {
        None
    }
}

/// A word pair is the two words joined by `|`.
pub open spec fn spec_pair(a: Seq<char>, b: Seq<char>) -> Seq<char> {
    a + seq!['|'] + b
}

/// The pairs appended by `add_pairs`: one for each adjacent pair of
/// input words whose joined byte length stays within 255.
pub open spec fn spec_pairs_of(ws: Seq<Seq<char>>) -> Seq<Seq<char>> {
    Seq::new((ws.len() - 1) as nat, |i: int| spec_pair(ws[i], ws[i + 1])).filter(
        |p: Seq<char>| encode_utf8(p).len() <= 255,
    )
}

/// What a word list becomes after pair generation.
pub open spec fn spec_add_pairs(ws: Seq<Seq<char>>) -> Seq<Seq<char>> {
    if ws.len() == 0 {
        ws
    } else {
        ws + spec_pairs_of(ws)
    }
}

/// Appends to `words` the `left|right` bigrams of adjacent words, in
/// left-to-right order, keeping only those of at most 255 bytes.
pub fn add_pairs(words: &mut Vec<String>)
    ensures
        final(words)@.map_values(|w: String| w@) == spec_add_pairs(old(words)@.map_values(
            |w: String| w@,
        )),
{
    let ghost view0 = old(words)@.map_values(|w: String| w@);
    if words.is_empty() {
        assert(words@.map_values(|w: String| w@) =~= spec_add_pairs(view0));
        return ;
    }
    let ghost all_pairs = Seq::new(
        (view0.len() - 1) as nat,
        |i: int| spec_pair(view0[i], view0[i + 1]),
    );
    let ghost keep = |p: Seq<char>| encode_utf8(p).len() <= 255;
    let n = words.len();
    let mut word_pairs: Vec<String> = Vec::new();
    proof {
        reveal(Seq::filter);
        assert(all_pairs.take(0) =~= Seq::<Seq<char>>::empty());
        assert(all_pairs.take(0).filter(keep) =~= Seq::<Seq<char>>::empty());
        assert(word_pairs@.map_values(|w: String| w@) =~= Seq::<Seq<char>>::empty());
    }
    let mut k: usize = 1;
    while k < n
        invariant
            1 <= k <= n,
            n == words@.len(),
            words@.map_values(|w: String| w@) == view0,
            all_pairs == Seq::new(
                (view0.len() - 1) as nat,
                |i: int| spec_pair(view0[i], view0[i + 1]),
            ),
            keep == (|p: Seq<char>| encode_utf8(p).len() <= 255),
            word_pairs@.map_values(|w: String| w@) == all_pairs.take(k - 1).filter(keep),
        decreases n - k,
    {
        let left = words[k - 1].clone();
        let joined = left.concat("|").concat(words[k].as_str());
        proof {
            reveal_strlit("|");
            assert("|"@ =~= seq!['|']);
            assert(joined@ =~= spec_pair(view0[k - 1], view0[k as int]));
            assert(all_pairs.take(k - 1).push(all_pairs[k - 1]) =~= all_pairs.take(k as int));
            all_pairs.take(k - 1).lemma_filter_push(all_pairs[k - 1], keep);
        }
        if joined.as_str().as_bytes().len() <= 255 {
            word_pairs.push(joined);
            proof {
                assert(word_pairs@.map_values(|w: String| w@) =~= all_pairs.take(
                    k as int,
                ).filter(keep));
            }
        }
        k = k + 1;
    }
    proof {
        assert(all_pairs.take(n - 1) =~= all_pairs);
    }
    let mut tail = word_pairs;
    words.append(&mut tail);
    proof {
        assert(words@.map_values(|w: String| w@) =~= view0 + all_pairs.filter(keep));
        assert(all_pairs.filter(keep) =~= spec_pairs_of(view0));
    }
}

/// A character sequence that canonicalization maps to itself: every
/// character survives the strip set and is its own lowercase form.
pub open spec fn canon_fixed(s: Seq<char>) -> bool {
    forall|i: int|
        0 <= i < s.len() ==> spec_is_canonical(#[trigger] s[i]) && lower_of(s[i]) == seq![s[i]]
}

proof fn lemma_canon_fixed_chars(s: Seq<char>)
    requires
        canon_fixed(s),
    ensures
        canon_chars(s) == s,
    decreases s.len(),
{
    let pred = |c: char| spec_is_canonical(c);
    let f = |c: char| lower_of(c);
    if s.len() == 0 {
        reveal(Seq::filter);
        assert(s.filter(pred) =~= s);
        assert(s.filter(pred).map_values(f) =~= Seq::<Seq<char>>::empty());
        assert(canon_chars(s) =~= s);
    } else {
        let head = s.take(s.len() - 1);
        let last = s[s.len() - 1];
        assert(canon_fixed(head));
        lemma_canon_fixed_chars(head);
        assert(head.push(last) =~= s);
        head.lemma_filter_push(last, pred);
        head.filter(pred).lemma_flat_map_push(f, last);
        assert(canon_chars(head) == head);
        assert(canon_chars(s) =~= s);
    }
}

/// Canonicalization is idempotent on tokens whose canonical form is a
/// fixed point of stripping and lowercasing and stays under 25 bytes:
/// canonicalizing the canonical form yields it unchanged.
pub proof fn lemma_canonicalize_idempotent(s: Seq<char>, t: Seq<char>)
    requires
        spec_canonicalize(s) == Some(t),
        canon_fixed(t),
        encode_utf8(t).len() < 25,
    ensures
        spec_canonicalize(t) == Some(t),
{
    lemma_canon_fixed_chars(t);
}


/// `encode_utf8` distributes over concatenation.
pub proof fn lemma_encode_utf8_concat(a: Seq<char>, b: Seq<char>)
    ensures
        encode_utf8(a + b) == encode_utf8(a) + encode_utf8(b),
    decreases b.len(),
{
    if b.len() == 0 {
        assert(a + b =~= a);
        assert(encode_utf8(a + b) =~= encode_utf8(a) + encode_utf8(b));
    } else {
        assert(a + b =~= (a + b.drop_last()).push(b.last()));
        lemma_encode_utf8_push(a + b.drop_last(), b.last());
        lemma_encode_utf8_concat(a, b.drop_last());
        assert(b.drop_last().push(b.last()) =~= b);
        lemma_encode_utf8_push(b.drop_last(), b.last());
        assert(encode_utf8(a + b) =~= encode_utf8(a) + encode_utf8(b));
    }
}

} // verus!
