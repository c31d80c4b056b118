//! Language handling: the supported languages, their catalog codes,
//! and detection of a document's primary language.
use vstd::prelude::*;

verus! {

/// The languages the index keeps.  Anything else is dropped at import.
#[derive(Clone, Copy, PartialEq, Eq, Structural, Debug)]
pub enum LangCode {
    Eng,
    Spa,
    Fra,
    Other,
}

/// The three-letter catalog code of a supported language, as bytes.
pub open spec fn spec_lang_code(l: LangCode) -> Seq<u8> {
    match l {
        LangCode::Eng => seq![101u8, 110u8, 103u8],
        LangCode::Spa => seq![115u8, 112u8, 97u8],
        LangCode::Fra => seq![102u8, 114u8, 97u8],
        LangCode::Other => seq![],
    }
}

pub open spec fn spec_supported(l: LangCode) -> bool {
    l == LangCode::Eng || l == LangCode::Spa || l == LangCode::Fra
}

/// The catalog code of a supported language: `eng`, `spa` or `fra` in
/// ASCII bytes; the empty string otherwise.
pub fn lang_code(l: LangCode) -> (r: Vec<u8>)
    ensures
        r@ == spec_lang_code(l),
{
    let mut out: Vec<u8> = Vec::new();
    match l {
        LangCode::Eng => {
            out.push(101u8);
            out.push(110u8);
            out.push(103u8);
        },
        LangCode::Spa => {
            out.push(115u8);
            out.push(112u8);
            out.push(97u8);
        },
        LangCode::Fra => {
            out.push(102u8);
            out.push(114u8);
            out.push(97u8);
        },
        LangCode::Other => {},
    }
    proof {
        assert(out@ =~= spec_lang_code(l));
    }
    out
}

pub fn lang_is_supported(l: LangCode) -> (r: bool)
    ensures
        r == spec_supported(l),
{
    match l {
        LangCode::Eng => true,
        LangCode::Spa => true,
        LangCode::Fra => true,
        LangCode::Other => false,
    }
}

/// The primary language that detection assigns to a text, if any.
///
/// Language detection is a statistical trigram analysis, far too large
/// to restate here; this name stands for whatever `whatlang` decides.
pub uninterp spec fn detected_lang_of(s: Seq<char>) -> Option<LangCode>;

/// Relies on `whatlang::detect_lang`: the detected language depends on
/// the text alone.  Languages other than the supported three come back
/// as `Other`.
#[verifier::external_body]
pub fn detect_lang(text: &str) -> (r: Option<LangCode>)
    ensures
        r == detected_lang_of(text@),
{
    match whatlang::detect_lang(text) {
        None => None,
        Some(whatlang::Lang::Eng) => Some(LangCode::Eng),
        Some(whatlang::Lang::Spa) => Some(LangCode::Spa),
        Some(whatlang::Lang::Fra) => Some(LangCode::Fra),
        Some(_) => Some(LangCode::Other),
    }
}

} // verus!
