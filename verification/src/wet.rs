//! The WARC/1.0 WET parser: slices a byte stream into `warcinfo` and
//! `conversion` records.
//!
//! A record is the literal `WARC/1.0`, a line per header in a fixed
//! order, a blank `\r\n` line, exactly `Content-Length` bytes of
//! content, then any trailing whitespace.  Header values and content
//! must be UTF-8; a line ends at `\r\n` or at a bare `\n`.
use crate::canon::string_from_utf8;
use crate::codec::take_bytes;
use vstd::prelude::*;
use vstd::utf8::{encode_utf8, valid_utf8};

verus! {

/// One WET record.
pub enum WetRef {
    WarcInfo {
        date: String,
        filename: String,
        record_id: String,
        content_type: String,
        content: String,
    },
    Conversion {
        url: String,
        date: String,
        record_id: String,
        refers_to: String,
        block_digest: String,
        content_type: String,
        content: String,
    },
}

/// The byte-level model of a record: whether it is a conversion, its
/// header values in order, and its content.
pub type WetModel = (bool, Seq<Seq<u8>>, Seq<u8>);

/// The index of the first newline byte, or `-1`.
pub open spec fn first_nl(b: Seq<u8>) -> int
    decreases b.len(),
{
    if b.len() == 0 {
        -1
    } else if b[0] == 10 {
        0
    } else {
        let r = first_nl(b.drop_first());
        if r < 0 {
            -1
        } else {
            r + 1
        }
    }
}

pub proof fn lemma_first_nl(b: Seq<u8>)
    ensures
        first_nl(b) >= 0 ==> first_nl(b) < b.len() && b[first_nl(b)] == 10 && forall|t: int|
            0 <= t < first_nl(b) ==> b[t] != 10,
        first_nl(b) < 0 ==> forall|t: int| 0 <= t < b.len() ==> b[t] != 10,
    decreases b.len(),
{
    if b.len() > 0 && b[0] != 10 {
        lemma_first_nl(b.drop_first());
        if first_nl(b) >= 0 {
            assert(b[first_nl(b)] == b.drop_first()[first_nl(b.drop_first())]);
            assert forall|t: int| 0 <= t < first_nl(b) implies b[t] != 10 by {
                if t > 0 {
                    assert(b[t] == b.drop_first()[t - 1]);
                }
            }
        } else {
            assert forall|t: int| 0 <= t < b.len() implies b[t] != 10 by {
                if t > 0 {
                    assert(b[t] == b.drop_first()[t - 1]);
                }
            }
        }
    }
}

/// A line: the bytes before the first newline, with a trailing
/// carriage return removed, provided they are UTF-8.  Yields the value
/// and the number of bytes consumed.
pub open spec fn spec_take_line(b: Seq<u8>) -> Option<(Seq<u8>, int)> {
    let nl = first_nl(b);
    if nl < 0 {
        None
    } else {
        let raw = b.take(nl);
        let value = if raw.len() > 0 && raw.last() == 13 {
            raw.drop_last()
        } else {
            raw
        };
        if valid_utf8(value) {
            Some((value, nl + 1))
        } else {
            None
        }
    }
}

/// A header line `name: value`: the line must start with the given
/// prefix (name, colon, space); yields the value after it.
pub open spec fn spec_header(b: Seq<u8>, prefix: Seq<u8>) -> Option<(Seq<u8>, int)> {
    match spec_take_line(b) {
        None => None,
        Some((line, used)) => if line.len() >= prefix.len() && line.take(prefix.len() as int)
            == prefix && valid_utf8(line.skip(prefix.len() as int)) {
            Some((line.skip(prefix.len() as int), used))
        } else {
            None
        },
    }
}

pub open spec fn is_dec_digit(c: u8) -> bool {
    48 <= c <= 57
}

/// The value of a decimal digit string.
pub open spec fn dec_value(s: Seq<u8>) -> int
    decreases s.len(),
{
    if s.len() == 0 {
        0
    } else {
        dec_value(s.drop_last()) * 10 + (s.last() - 48)
    }
}

pub open spec fn spec_parse_len(s: Seq<u8>) -> Option<u64> {
    if s.len() > 0 && (forall|i: int| 0 <= i < s.len() ==> is_dec_digit(#[trigger] s[i]))
        && dec_value(s) <= u64::MAX {
        Some(dec_value(s) as u64)
    } else {
        None
    }
}

/// WET whitespace: space, newline, carriage return, tab.
pub open spec fn is_wet_ws(c: u8) -> bool {
    c == 32 || c == 10 || c == 13 || c == 9
}

/// The number of leading whitespace bytes.
pub open spec fn leading_ws(b: Seq<u8>) -> int
    decreases b.len(),
{
    if b.len() == 0 {
        0
    } else if is_wet_ws(b[0]) {
        1 + leading_ws(b.drop_first())
    } else {
        0
    }
}

pub proof fn lemma_leading_ws(b: Seq<u8>)
    ensures
        0 <= leading_ws(b) <= b.len(),
        forall|t: int| 0 <= t < leading_ws(b) ==> is_wet_ws(#[trigger] b[t]),
        leading_ws(b) < b.len() ==> !is_wet_ws(b[leading_ws(b)]),
    decreases b.len(),
{
    if b.len() > 0 && is_wet_ws(b[0]) {
        lemma_leading_ws(b.drop_first());
        assert forall|t: int| 0 <= t < leading_ws(b) implies is_wet_ws(#[trigger] b[t]) by {
            if t > 0 {
                assert(b[t] == b.drop_first()[t - 1]);
            }
        }
        if leading_ws(b) < b.len() {
            assert(b[leading_ws(b)] == b.drop_first()[leading_ws(b.drop_first())]);
        }
    }
}

/// The `WARC/1.0` opening line, as bytes.
pub open spec fn warc_magic() -> Seq<u8> {
    encode_utf8("WARC/1.0"@)
}

/// The two record-type lines, as bytes.
pub open spec fn type_conversion() -> Seq<u8> {
    encode_utf8("WARC-Type: conversion"@)
}

pub open spec fn type_warcinfo() -> Seq<u8> {
    encode_utf8("WARC-Type: warcinfo"@)
}

pub open spec fn hdr_url() -> Seq<u8> {
    encode_utf8("WARC-Target-URI: "@)
}

pub open spec fn hdr_date() -> Seq<u8> {
    encode_utf8("WARC-Date: "@)
}

pub open spec fn hdr_filename() -> Seq<u8> {
    encode_utf8("WARC-Filename: "@)
}

pub open spec fn hdr_record_id() -> Seq<u8> {
    encode_utf8("WARC-Record-ID: "@)
}

pub open spec fn hdr_refers_to() -> Seq<u8> {
    encode_utf8("WARC-Refers-To: "@)
}

pub open spec fn hdr_digest() -> Seq<u8> {
    encode_utf8("WARC-Block-Digest: "@)
}

pub open spec fn hdr_content_type() -> Seq<u8> {
    encode_utf8("Content-Type: "@)
}

pub open spec fn hdr_content_length() -> Seq<u8> {
    encode_utf8("Content-Length: "@)
}

/// Parses the header block and body shared by both record shapes:
/// `prefixes` names the headers in order, then `Content-Length`, a
/// blank `\r\n` line, the content itself (which must be UTF-8), and
/// trailing whitespace.  Yields the header values, the content, and
/// the bytes consumed.
pub open spec fn spec_record_tail(b: Seq<u8>, prefixes: Seq<Seq<u8>>) -> Option<
    (Seq<Seq<u8>>, Seq<u8>, int),
>
    decreases prefixes.len(),
{
    if prefixes.len() == 0 {
        match spec_header(b, hdr_content_length()) {
            None => None,
            Some((lenv, used)) => match spec_parse_len(lenv) {
                None => None,
                Some(clen) => {
                    let after = b.skip(used);
                    if after.len() >= 2 && after[0] == 13 && after[1] == 10 && after.len() - 2
                        >= clen {
                        let content = after.subrange(2, 2 + clen as int);
                        if valid_utf8(content) {
                            let rest = after.skip(2 + clen as int);
                            Some(
                                (
                                    Seq::empty(),
                                    content,
                                    used + 2 + clen + leading_ws(rest),
                                ),
                            )
                        } else {
                            None
                        }
                    } else {
                        None
                    }
                },
            },
        }
    } else {
        match spec_header(b, prefixes[0]) {
            None => None,
            Some((v, used)) => match spec_record_tail(b.skip(used), prefixes.drop_first()) {
                None => None,
                Some((vs, content, used2)) => Some(
                    (seq![v] + vs, content, used + used2),
                ),
            },
        }
    }
}

pub open spec fn conversion_prefixes() -> Seq<Seq<u8>> {
    seq![
        hdr_url(),
        hdr_date(),
        hdr_record_id(),
        hdr_refers_to(),
        hdr_digest(),
        hdr_content_type(),
    ]
}

pub open spec fn warcinfo_prefixes() -> Seq<Seq<u8>> {
    seq![hdr_date(), hdr_filename(), hdr_record_id(), hdr_content_type()]
}

/// Parses one record from the front of `b`: the magic line, the type
/// line, then the headers and body of that type.
pub open spec fn spec_parse_record(b: Seq<u8>) -> Option<(WetModel, int)> {
    match spec_take_line(b) {
        None => None,
        Some((magic, used0)) => if magic != warc_magic() {
            None
        } else {
            match spec_take_line(b.skip(used0)) {
                None => None,
                Some((ty, used1)) => if ty == type_conversion() {
                    match spec_record_tail(b.skip(used0 + used1), conversion_prefixes()) {
                        None => None,
                        Some((vs, content, used2)) => Some(
                            ((true, vs, content), used0 + used1 + used2),
                        ),
                    }
                } else if ty == type_warcinfo() {
                    match spec_record_tail(b.skip(used0 + used1), warcinfo_prefixes()) {
                        None => None,
                        Some((vs, content, used2)) => Some(
                            ((false, vs, content), used0 + used1 + used2),
                        ),
                    }
                } else {
                    None
                },
            }
        },
    }
}

/// The model of a parsed record value.
pub open spec fn wet_ref_model(r: WetRef) -> WetModel {
    match r {
        WetRef::WarcInfo { date, filename, record_id, content_type, content } => (
            false,
            seq![
                encode_utf8(date@),
                encode_utf8(filename@),
                encode_utf8(record_id@),
                encode_utf8(content_type@),
            ],
            encode_utf8(content@),
        ),
        WetRef::Conversion { url, date, record_id, refers_to, block_digest, content_type, content }
            => (
            true,
            seq![
                encode_utf8(url@),
                encode_utf8(date@),
                encode_utf8(record_id@),
                encode_utf8(refers_to@),
                encode_utf8(block_digest@),
                encode_utf8(content_type@),
            ],
            encode_utf8(content@),
        ),
    }
}


/// The line value at the front of `b`: the bytes before the first
/// newline, with a trailing carriage return removed.
pub open spec fn line_value(b: Seq<u8>) -> Seq<u8> {
    let raw = b.take(first_nl(b));
    if raw.len() > 0 && raw.last() == 13 {
        raw.drop_last()
    } else {
        raw
    }
}

/// Finds the end of the current line: returns the end of its value and
/// the start of the next line.
#[verifier::loop_isolation(false)]
fn find_line(bytes: &Vec<u8>, pos: usize) -> (r: Option<(usize, usize)>)
    requires
        pos <= bytes@.len(),
    ensures
        r matches Some(v) ==> first_nl(bytes@.skip(pos as int)) >= 0 && v.1 == pos + first_nl(
            bytes@.skip(pos as int),
        ) + 1 && pos <= v.0 < v.1 <= bytes@.len() && bytes@.subrange(pos as int, v.0 as int)
            == line_value(bytes@.skip(pos as int)),
        r is None ==> first_nl(bytes@.skip(pos as int)) < 0,
{
    let ghost sub = bytes@.skip(pos as int);
    proof {
        lemma_first_nl(sub);
    }
    let total = bytes.len();
    let mut i = pos;
    while i < total && bytes[i] != 10
        invariant
            pos <= i <= total,
            forall|t: int| pos <= t < i ==> bytes@[t] != 10,
        decreases total - i,
    {
        i = i + 1;
    }
    if i >= total {
        proof {
            if first_nl(sub) >= 0 {
                assert(sub[first_nl(sub)] == 10);
                assert(bytes@[pos + first_nl(sub)] == 10);
                assert(false);
            }
        }
        return None;
    }
    proof {
        assert(bytes@[i as int] == 10);
        assert(sub[i - pos] == 10);
        assert(first_nl(sub) >= 0) by {
            if first_nl(sub) < 0 {
                assert(sub[i - pos] != 10);
            }
        }
        assert(first_nl(sub) == i - pos) by {
            if first_nl(sub) < i - pos {
                assert(bytes@[pos + first_nl(sub)] == sub[first_nl(sub)]);
            }
            if first_nl(sub) > i - pos {
                assert(sub[i - pos] != 10);
            }
        }
    }
    let ve = if i > pos && bytes[i - 1] == 13 {
        i - 1
    } else {
        i
    };
    proof {
        let raw = sub.take(first_nl(sub));
        assert(raw =~= bytes@.subrange(pos as int, i as int));
        if i > pos && bytes@[i - 1] == 13 {
            assert(raw.len() > 0 && raw.last() == 13);
            assert(bytes@.subrange(pos as int, ve as int) =~= raw.drop_last());
        } else {
            if raw.len() > 0 {
                assert(raw.last() == bytes@[i - 1]);
            }
            assert(bytes@.subrange(pos as int, ve as int) =~= raw);
        }
    }
    Some((ve, i + 1))
}

/// Reads one full line as a string: the executable form of
/// [`spec_take_line`].
fn take_line(bytes: &Vec<u8>, pos: usize) -> (r: Option<(String, usize)>)
    requires
        pos <= bytes@.len(),
    ensures
        r matches Some(v) ==> spec_take_line(bytes@.skip(pos as int)) matches Some(sv)
            && encode_utf8(v.0@) == sv.0 && v.1 == pos + sv.1 && pos < v.1 <= bytes@.len(),
        r is None ==> spec_take_line(bytes@.skip(pos as int)) is None,
{
    let fl = match find_line(bytes, pos) {
        Some(v) => v,
        None => {
            return None;
        },
    };
    let value_bytes = take_bytes(bytes.as_slice(), pos, fl.0 - pos);
    match string_from_utf8(value_bytes) {
        Some(s) => {
            proof {
                vstd::utf8::encode_utf8_valid_utf8(s@);
                assert(valid_utf8(line_value(bytes@.skip(pos as int))));
            }
            Some((s, fl.1))
        },
        None => {
            proof {
                assert(!valid_utf8(line_value(bytes@.skip(pos as int))));
            }
            None
        },
    }
}

/// Reads one `name: value` header line: the executable form of
/// [`spec_header`].
#[verifier::loop_isolation(false)]
fn take_header(bytes: &Vec<u8>, pos: usize, prefix: &Vec<u8>) -> (r: Option<(String, usize)>)
    requires
        pos <= bytes@.len(),
        valid_utf8(prefix@),
    ensures
        r matches Some(v) ==> spec_header(bytes@.skip(pos as int), prefix@) matches Some(sv)
            && encode_utf8(v.0@) == sv.0 && v.1 == pos + sv.1 && pos < v.1 <= bytes@.len(),
        r is None ==> spec_header(bytes@.skip(pos as int), prefix@) is None,
{
    let ghost sub = bytes@.skip(pos as int);
    let fl = match find_line(bytes, pos) {
        Some(v) => v,
        None => {
            return None;
        },
    };
    let plen = prefix.len();
    if fl.0 - pos < plen {
        proof {
            assert(line_value(sub).len() < prefix@.len());
            assert(spec_take_line(sub) matches Some(sv) ==> sv.0 == line_value(sub));
        }
        return None;
    }
    // compare the prefix
    let mut k: usize = 0;
    while k < plen
        invariant
            0 <= k <= plen,
            plen == prefix@.len(),
            pos + plen <= fl.0 <= bytes@.len(),
            forall|t: int| 0 <= t < k ==> bytes@[pos + t] == prefix@[t],
        decreases plen - k,
    {
        if bytes[pos + k] != prefix[k] {
            proof {
                let lv = line_value(sub);
                assert(lv[k as int] == bytes@[pos + k]);
                assert(lv.take(prefix@.len() as int) != prefix@) by {
                    if lv.take(prefix@.len() as int) == prefix@ {
                        assert(lv.take(prefix@.len() as int)[k as int] == prefix@[k as int]);
                    }
                }
                assert(spec_take_line(sub) matches Some(sv) ==> sv.0 == lv);
            }
            return None;
        }
        k = k + 1;
    }
    let value_bytes = take_bytes(bytes.as_slice(), pos + plen, fl.0 - pos - plen);
    let ghost lv = line_value(sub);
    proof {
        assert(lv.take(prefix@.len() as int) =~= prefix@);
        assert(value_bytes@ =~= lv.skip(prefix@.len() as int));
    }
    match string_from_utf8(value_bytes) {
        Some(s) => {
            proof {
                vstd::utf8::encode_utf8_valid_utf8(s@);
                vstd::utf8::valid_utf8_concat(prefix@, value_bytes@);
                assert(prefix@ + value_bytes@ =~= lv);
                assert(valid_utf8(lv));
            }
            Some((s, fl.1))
        },
        None => {
            proof {
                assert(!valid_utf8(lv.skip(prefix@.len() as int)));
                assert(spec_take_line(sub) matches Some(sv) ==> sv.0 == lv);
            }
            None
        },
    }
}

proof fn lemma_dec_value_nonneg(s: Seq<u8>)
    requires
        forall|i: int| 0 <= i < s.len() ==> is_dec_digit(#[trigger] s[i]),
    ensures
        dec_value(s) >= 0,
    decreases s.len(),
{
    if s.len() > 0 {
        assert(forall|i: int|
            0 <= i < s.drop_last().len() ==> #[trigger] s.drop_last()[i] == s[i]);
        lemma_dec_value_nonneg(s.drop_last());
    }
}

proof fn lemma_dec_value_mono(s: Seq<u8>, k: int)
    requires
        forall|i: int| 0 <= i < s.len() ==> is_dec_digit(#[trigger] s[i]),
        0 <= k <= s.len(),
    ensures
        dec_value(s) >= dec_value(s.take(k)),
    decreases s.len() - k,
{
    if k < s.len() {
        lemma_dec_value_mono(s, k + 1);
        assert(s.take(k + 1).drop_last() =~= s.take(k));
        assert(forall|i: int| 0 <= i < s.take(k).len() ==> #[trigger] s.take(k)[i] == s[i]);
        lemma_dec_value_nonneg(s.take(k));
        assert(dec_value(s.take(k + 1)) == dec_value(s.take(k)) * 10 + (s[k] - 48));
        assert(dec_value(s.take(k)) * 10 >= dec_value(s.take(k))) by (nonlinear_arith)
            requires
                dec_value(s.take(k)) >= 0,
        ;
    } else {
        assert(s.take(k) =~= s);
    }
}

/// Parses a decimal length field: the executable form of
/// [`spec_parse_len`].
#[verifier::loop_isolation(false)]
fn parse_len(s: &String) -> (r: Option<u64>)
    ensures
        r == spec_parse_len(encode_utf8(s@)),
{
    let b = s.as_str().as_bytes_vec();
    let n = b.len();
    if n == 0 {
        return None;
    }
    let mut val: u64 = 0;
    let mut k: usize = 0;
    proof {
        assert(b@.take(0) =~= Seq::<u8>::empty());
    }
    while k < n
        invariant
            0 <= k <= n,
            n == b@.len(),
            b@ == encode_utf8(s@),
            forall|t: int| 0 <= t < k ==> is_dec_digit(#[trigger] b@[t]),
            val == dec_value(b@.take(k as int)),
        decreases n - k,
    {
        let c = b[k];
        if c < 48 || c > 57 {
            return None;
        }
        let d = (c - 48) as u64;
        if val > (u64::MAX - d) / 10 {
            proof {
                assert(b@.take(k + 1).drop_last() =~= b@.take(k as int));
                assert(dec_value(b@.take(k + 1)) == val * 10 + d);
                assert(val * 10 + d > u64::MAX) by (nonlinear_arith)
                    requires
                        val > (u64::MAX - d) / 10,
                        0 <= d <= 9,
                        val >= 0,
                        u64::MAX == 0xffff_ffff_ffff_ffff,
                ;
                assert(forall|t: int|
                    0 <= t < b@.take(k + 1).len() ==> is_dec_digit(#[trigger] b@.take(k + 1)[t]));
                if forall|i: int| 0 <= i < b@.len() ==> is_dec_digit(#[trigger] b@[i]) {
                    lemma_dec_value_mono(b@, k + 1);
                }
            }
            return None;
        }
        proof {
            assert(val * 10 + d <= u64::MAX) by (nonlinear_arith)
                requires
                    val <= (u64::MAX - d) / 10,
                    0 <= d <= 9,
                    val >= 0,
                    u64::MAX == 0xffff_ffff_ffff_ffff,
            ;
            assert(b@.take(k + 1).drop_last() =~= b@.take(k as int));
        }
        val = val * 10 + d;
        k = k + 1;
    }
    proof {
        assert(b@.take(n as int) =~= b@);
    }
    Some(val)
}


/// Executable WET whitespace test.
fn is_ws_byte(c: u8) -> (r: bool)
    ensures
        r == is_wet_ws(c),
{
    c == 32 || c == 10 || c == 13 || c == 9
}

/// Parses the shared record tail: the named headers in order, the
/// length header, the blank line, the content, the trailing
/// whitespace.
#[verifier::loop_isolation(false)]
#[verifier::rlimit(100)]
fn parse_tail(bytes: &Vec<u8>, pos: usize, prefixes: &[Vec<u8>]) -> (r: Option<
    (Vec<String>, String, usize),
>)
    requires
        pos <= bytes@.len(),
        forall|k: int| 0 <= k < prefixes@.len() ==> valid_utf8((#[trigger] prefixes@[k])@),
    ensures
        r matches Some(v) ==> spec_record_tail(
            bytes@.skip(pos as int),
            prefixes@.map_values(|p: Vec<u8>| p@),
        ) matches Some(sv) && v.0@.map_values(|s: String| encode_utf8(s@)) == sv.0 && encode_utf8(
            v.1@,
        ) == sv.1 && v.2 == pos + sv.2 && pos <= v.2 <= bytes@.len() && v.0@.len()
            == prefixes@.len(),
        r is None ==> spec_record_tail(
            bytes@.skip(pos as int),
            prefixes@.map_values(|p: Vec<u8>| p@),
        ) is None,
    decreases prefixes@.len(),
{
    let ghost pviews = prefixes@.map_values(|p: Vec<u8>| p@);
    let total = bytes.len();
    if prefixes.len() == 0 {
        proof {
            assert(pviews =~= Seq::<Seq<u8>>::empty());
        }
        let clp = ("Content-Length: ").as_bytes_vec();
        proof {
            vstd::utf8::encode_utf8_valid_utf8("Content-Length: "@);
        }
        let lh = match take_header(bytes, pos, &clp) {
            Some(v) => v,
            None => {
                return None;
            },
        };
        let clen = match parse_len(&lh.0) {
            Some(c) => c,
            None => {
                return None;
            },
        };
        let ghost sub = bytes@.skip(pos as int);
        let ghost after = bytes@.skip(lh.1 as int);
        proof {
            assert(after =~= sub.skip(lh.1 - pos));
        }
        if total - lh.1 < 2 || clen > (total - lh.1 - 2) as u64 {
            proof {
                if after.len() >= 2 && after[0] == 13 && after[1] == 10 {
                    assert(after[0] == bytes@[lh.1 as int]);
                    assert(after[1] == bytes@[lh.1 + 1]);
                }
            }
            return None;
        }
        if !(bytes[lh.1] == 13 && bytes[lh.1 + 1] == 10) {
            proof {
                assert(after[0] == bytes@[lh.1 as int]);
                assert(after[1] == bytes@[lh.1 + 1]);
            }
            return None;
        }
        proof {
            assert(after[0] == bytes@[lh.1 as int]);
            assert(after[1] == bytes@[lh.1 + 1]);
        }
        let cstart = lh.1 + 2;
        let content_bytes = take_bytes(bytes.as_slice(), cstart, clen as usize);
        proof {
            assert(content_bytes@ =~= after.subrange(2, 2 + clen as int));
        }
        let content = match string_from_utf8(content_bytes) {
            Some(c) => {
                proof {
                    vstd::utf8::encode_utf8_valid_utf8(c@);
                }
                c
            },
            None => {
                return None;
            },
        };
        // trailing whitespace
        let ghost rest = bytes@.skip(cstart + clen as int);
        proof {
            lemma_leading_ws(rest);
            assert(rest =~= after.skip(2 + clen as int));
        }
        let mut i = cstart + clen as usize;
        while i < total && is_ws_byte(bytes[i])
            invariant
                cstart + clen <= i <= total,
                forall|t: int| cstart + clen <= t < i ==> is_wet_ws(#[trigger] bytes@[t]),
            decreases total - i,
        {
            i = i + 1;
        }
        proof {
            let lws = leading_ws(rest);
            let scanned = i - (cstart + clen as int);
            assert(forall|t: int| 0 <= t < rest.len() ==> rest[t] == bytes@[cstart + clen + t]);
            assert(scanned == lws) by {
                if scanned < lws {
                    assert(is_wet_ws(rest[scanned]));
                    assert(i < total && is_wet_ws(bytes@[i as int]));
                } else if scanned > lws {
                    assert(is_wet_ws(bytes@[cstart + clen + lws]));
                    assert(is_wet_ws(rest[lws]));
                }
            }
            assert(after.subrange(2, 2 + clen as int) == content_bytes@);
            assert(after.skip(2 + clen as int) =~= rest);
        }
        let out: Vec<String> = Vec::new();
        proof {
            assert(out@.map_values(|s: String| encode_utf8(s@)) =~= Seq::<Seq<u8>>::empty());
        }
        Some((out, content, i))
    } else {
        let hv = match take_header(bytes, pos, &prefixes[0]) {
            Some(v) => v,
            None => {
                proof {
                    assert(pviews[0] == prefixes@[0]@);
                }
                return None;
            },
        };
        proof {
            assert(pviews[0] == prefixes@[0]@);
            assert(bytes@.skip(hv.1 as int) =~= bytes@.skip(pos as int).skip(hv.1 - pos));
            assert(forall|k: int|
                0 <= k < prefixes@.len() - 1 ==> #[trigger] prefixes@.subrange(
                    1,
                    prefixes@.len() as int,
                )[k] == prefixes@[k + 1]);
        }
        let rest_prefixes = vstd::slice::slice_subrange(prefixes, 1, prefixes.len());
        let tail = match parse_tail(bytes, hv.1, rest_prefixes) {
            Some(v) => v,
            None => {
                proof {
                    assert(rest_prefixes@.map_values(|p: Vec<u8>| p@) =~= pviews.drop_first());
                    assert(bytes@.skip(hv.1 as int) =~= bytes@.skip(pos as int).skip(
                        hv.1 - pos,
                    ));
                }
                return None;
            },
        };
        proof {
            assert(rest_prefixes@.map_values(|p: Vec<u8>| p@) =~= pviews.drop_first());
        }
        let mut out: Vec<String> = Vec::new();
        out.push(hv.0);
        let mut rest_vals = tail.0;
        let ghost tail_vals = rest_vals@;
        out.append(&mut rest_vals);
        proof {
            let sv0 = seq![encode_utf8(out@[0].view())];
            assert(out@.map_values(|s: String| encode_utf8(s@)) =~= seq![
                encode_utf8(hv.0@),
            ] + tail_vals.map_values(|s: String| encode_utf8(s@)));
        }
        Some((out, tail.1, tail.2))
    }
}

/// Parses one record starting at `pos`.  A malformed record is an
/// error; the caller decides whether that aborts one file or all.
#[verifier::loop_isolation(false)]
#[verifier::rlimit(100)]
pub fn next_wet_ref(bytes: &Vec<u8>, pos: usize) -> (r: Result<
    (WetRef, usize),
    crate::errors::StrError,
>)
    requires
        pos <= bytes@.len(),
    ensures
        r matches Ok(v) ==> spec_parse_record(bytes@.skip(pos as int)) matches Some(sm)
            && wet_ref_model(v.0) == sm.0 && v.1 == pos + sm.1 && pos < v.1 <= bytes@.len(),
        r is Err ==> spec_parse_record(bytes@.skip(pos as int)) is None,
{
    let magic = ("WARC/1.0").as_bytes_vec();
    let line0 = match take_line(bytes, pos) {
        Some(v) => v,
        None => {
            return Err(crate::errors::StrError::new("malformed WET record"));
        },
    };
    let l0b = line0.0.as_str().as_bytes_vec();
    if !crate::order::bytes_eq(&l0b, &magic) {
        return Err(crate::errors::StrError::new("malformed WET record"));
    }
    proof {
        assert(bytes@.skip(line0.1 as int) =~= bytes@.skip(pos as int).skip(line0.1 - pos));
    }
    let line1 = match take_line(bytes, line0.1) {
        Some(v) => v,
        None => {
            return Err(crate::errors::StrError::new("malformed WET record"));
        },
    };
    proof {
        assert(bytes@.skip(line1.1 as int) =~= bytes@.skip(pos as int).skip(line1.1 - pos));
    }
    let l1b = line1.0.as_str().as_bytes_vec();
    let conv = ("WARC-Type: conversion").as_bytes_vec();
    let winfo = ("WARC-Type: warcinfo").as_bytes_vec();
    if crate::order::bytes_eq(&l1b, &conv) {
        let mut prefixes: Vec<Vec<u8>> = Vec::new();
        prefixes.push(("WARC-Target-URI: ").as_bytes_vec());
        prefixes.push(("WARC-Date: ").as_bytes_vec());
        prefixes.push(("WARC-Record-ID: ").as_bytes_vec());
        prefixes.push(("WARC-Refers-To: ").as_bytes_vec());
        prefixes.push(("WARC-Block-Digest: ").as_bytes_vec());
        prefixes.push(("Content-Type: ").as_bytes_vec());
        proof {
            assert(prefixes@.map_values(|p: Vec<u8>| p@) =~= conversion_prefixes());
            vstd::utf8::encode_utf8_valid_utf8("WARC-Target-URI: "@);
            vstd::utf8::encode_utf8_valid_utf8("WARC-Date: "@);
            vstd::utf8::encode_utf8_valid_utf8("WARC-Record-ID: "@);
            vstd::utf8::encode_utf8_valid_utf8("WARC-Refers-To: "@);
            vstd::utf8::encode_utf8_valid_utf8("WARC-Block-Digest: "@);
            vstd::utf8::encode_utf8_valid_utf8("Content-Type: "@);
        }
        let tail = match parse_tail(bytes, line1.1, prefixes.as_slice()) {
            Some(v) => v,
            None => {
                return Err(crate::errors::StrError::new("malformed WET record"));
            },
        };
        if tail.0.len() != 6 {
            proof {
                assert(false);
            }
            return Err(crate::errors::StrError::new("malformed WET record"));
        }
        let rec = WetRef::Conversion {
            url: tail.0[0].clone(),
            date: tail.0[1].clone(),
            record_id: tail.0[2].clone(),
            refers_to: tail.0[3].clone(),
            block_digest: tail.0[4].clone(),
            content_type: tail.0[5].clone(),
            content: tail.1,
        };
        proof {
            let vs = tail.0@.map_values(|s: String| encode_utf8(s@));
            assert(wet_ref_model(rec).1 =~= vs);
        }
        Ok((rec, tail.2))
    } else if crate::order::bytes_eq(&l1b, &winfo) {
        let mut prefixes: Vec<Vec<u8>> = Vec::new();
        prefixes.push(("WARC-Date: ").as_bytes_vec());
        prefixes.push(("WARC-Filename: ").as_bytes_vec());
        prefixes.push(("WARC-Record-ID: ").as_bytes_vec());
        prefixes.push(("Content-Type: ").as_bytes_vec());
        proof {
            assert(prefixes@.map_values(|p: Vec<u8>| p@) =~= warcinfo_prefixes());
            vstd::utf8::encode_utf8_valid_utf8("WARC-Date: "@);
            vstd::utf8::encode_utf8_valid_utf8("WARC-Filename: "@);
            vstd::utf8::encode_utf8_valid_utf8("WARC-Record-ID: "@);
            vstd::utf8::encode_utf8_valid_utf8("Content-Type: "@);
        }
        let tail = match parse_tail(bytes, line1.1, prefixes.as_slice()) {
            Some(v) => v,
            None => {
                return Err(crate::errors::StrError::new("malformed WET record"));
            },
        };
        if tail.0.len() != 4 {
            proof {
                assert(false);
            }
            return Err(crate::errors::StrError::new("malformed WET record"));
        }
        let rec = WetRef::WarcInfo {
            date: tail.0[0].clone(),
            filename: tail.0[1].clone(),
            record_id: tail.0[2].clone(),
            content_type: tail.0[3].clone(),
            content: tail.1,
        };
        proof {
            let vs = tail.0@.map_values(|s: String| encode_utf8(s@));
            assert(wet_ref_model(rec).1 =~= vs);
        }
        Ok((rec, tail.2))
    } else {
        return Err(crate::errors::StrError::new("malformed WET record"));
    }
}

/// The `(url, content)` pairs of the conversion records of a whole WET
/// stream, or `None` if any record is malformed.
pub open spec fn spec_documents(b: Seq<u8>) -> Option<Seq<(Seq<u8>, Seq<u8>)>>
    decreases b.len(),
{
    if b.len() == 0 {
        Some(Seq::empty())
    } else {
        match spec_parse_record(b) {
            None => None,
            Some((m, used)) => if 0 < used <= b.len() {
                match spec_documents(b.skip(used)) {
                    None => None,
                    Some(ds) => if m.0 {
                        Some(seq![(m.1[0], m.2)] + ds)
                    } else {
                        Some(ds)
                    },
                }
            } else {
                None
            },
        }
    }
}

/// The kinds of the records of a whole WET stream, in order: `true`
/// for a conversion, `false` for a warcinfo.
pub open spec fn spec_record_kinds(b: Seq<u8>) -> Option<Seq<bool>>
    decreases b.len(),
{
    if b.len() == 0 {
        Some(Seq::empty())
    } else {
        match spec_parse_record(b) {
            None => None,
            Some((m, used)) => if 0 < used <= b.len() {
                match spec_record_kinds(b.skip(used)) {
                    None => None,
                    Some(ks) => Some(seq![m.0] + ks),
                }
            } else {
                None
            },
        }
    }
}

/// A stream of only warcinfo records yields no documents.
pub proof fn lemma_warcinfo_only(b: Seq<u8>, ks: Seq<bool>, ds: Seq<(Seq<u8>, Seq<u8>)>)
    requires
        spec_record_kinds(b) == Some(ks),
        forall|i: int| 0 <= i < ks.len() ==> !(#[trigger] ks[i]),
        spec_documents(b) == Some(ds),
    ensures
        ds.len() == 0,
    decreases b.len(),
{
    if b.len() > 0 {
        let (m, used) = spec_parse_record(b).unwrap();
        let ks1 = spec_record_kinds(b.skip(used)).unwrap();
        let ds1 = spec_documents(b.skip(used)).unwrap();
        assert(ks == seq![m.0] + ks1);
        assert(ks[0] == m.0);
        assert(!m.0);
        assert(forall|i: int| 0 <= i < ks1.len() ==> !(#[trigger] ks1[i])) by {
            assert(forall|i: int| 0 <= i < ks1.len() ==> ks1[i] == ks[i + 1]);
        }
        lemma_warcinfo_only(b.skip(used), ks1, ds1);
    }
}


/// The byte view of a decoded document list.
pub open spec fn docs_view(ds: Seq<(String, String)>) -> Seq<(Seq<u8>, Seq<u8>)> {
    ds.map_values(|d: (String, String)| (encode_utf8(d.0@), encode_utf8(d.1@)))
}

/// Slices a whole WET stream into its documents: the `(url, content)`
/// of every conversion record.  Any malformed record is an error.
#[verifier::loop_isolation(false)]
#[verifier::rlimit(100)]
pub fn wet_documents(bytes: &Vec<u8>) -> (r: Result<Vec<(String, String)>, crate::errors::StrError>)
    ensures
        r matches Ok(ds) ==> spec_documents(bytes@) == Some(docs_view(ds@)),
        r is Err ==> spec_documents(bytes@) is None,
{
    let total = bytes.len();
    let mut out: Vec<(String, String)> = Vec::new();
    let mut pos: usize = 0;
    proof {
        assert(docs_view(out@) =~= Seq::<(Seq<u8>, Seq<u8>)>::empty());
        assert(bytes@.skip(0) =~= bytes@);
        assert forall|tail: Seq<(Seq<u8>, Seq<u8>)>|
            spec_documents(bytes@.skip(0)) == Some(tail) implies spec_documents(bytes@) == Some(
            #[trigger] (docs_view(out@) + tail),
        ) by {
            assert(docs_view(out@) + tail =~= tail);
        }
    }
    while pos < total
        invariant
            0 <= pos <= total,
            forall|tail: Seq<(Seq<u8>, Seq<u8>)>|
                spec_documents(bytes@.skip(pos as int)) == Some(tail) ==> spec_documents(bytes@)
                    == Some(#[trigger] (docs_view(out@) + tail)),
            spec_documents(bytes@.skip(pos as int)) is None ==> spec_documents(bytes@) is None,
        decreases total - pos,
    {
        let ghost sub = bytes@.skip(pos as int);
        let parsed = match next_wet_ref(bytes, pos) {
            Ok(v) => v,
            Err(e) => {
                proof {
                    assert(sub.len() > 0);
                    assert(spec_documents(sub) is None);
                }
                return Err(e);
            },
        };
        let ghost acc0 = docs_view(out@);
        let np = parsed.1;
        proof {
            assert(bytes@.skip(np as int) =~= sub.skip(np - pos));
        }
        match parsed.0 {
            WetRef::Conversion {
                url,
                date,
                record_id,
                refers_to,
                block_digest,
                content_type,
                content,
            } => {
                out.push((url, content));
                proof {
                    let acc1 = docs_view(out@);
                    let ghost sm = spec_parse_record(sub).unwrap();
                    assert forall|tail: Seq<(Seq<u8>, Seq<u8>)>|
                        spec_documents(bytes@.skip(np as int)) == Some(tail) implies
                        spec_documents(bytes@) == Some(#[trigger] (acc1 + tail)) by {
                        assert(spec_documents(sub) == Some(seq![(sm.0.1[0], sm.0.2)] + tail));
                        assert(acc0 + (seq![(sm.0.1[0], sm.0.2)] + tail) =~= acc1 + tail);
                    }
                }
            },
            WetRef::WarcInfo { date, filename, record_id, content_type, content } => {
                proof {
                    let ghost sm = spec_parse_record(sub).unwrap();
                    assert forall|tail: Seq<(Seq<u8>, Seq<u8>)>|
                        spec_documents(bytes@.skip(np as int)) == Some(tail) implies
                        spec_documents(bytes@) == Some(#[trigger] (acc0 + tail)) by {
                        assert(spec_documents(sub) == Some(tail));
                    }
                }
            },
        }
        pos = np;
    }
    proof {
        assert(bytes@.skip(pos as int) =~= Seq::<u8>::empty());
        let accf = docs_view(out@);
        assert(spec_documents(bytes@.skip(pos as int)) == Some(Seq::<(Seq<u8>, Seq<u8>)>::empty()));
        assert(accf + Seq::<(Seq<u8>, Seq<u8>)>::empty() =~= accf);
    }
    Ok(out)
}

} // verus!
