//! Language detection, collation and legacy text decoding.
use vstd::prelude::*;
use std::cmp::Ordering;
use crate::text::{whatwg_decode, DecodeFailure};

verus! {

/// The ISO 639-3 code of the language that `whatlang` detects in `text`, `None`
/// where it detects none.
pub uninterp spec fn detected_language(text: Seq<char>) -> Option<Seq<char>>;

/// `whatlang::detect(text)`, reduced to the code of the detected language
/// (`Lang::code`).
#[verifier::external_body]
fn detect_language(text: &str) -> (code: Option<String>)
    ensures
        code.deep_view() == detected_language(text@),
{
    whatlang::detect(text).map(|info| info.lang().code().to_string())
}

/// The collation locale for a detected language: Chinese, English, Japanese, Korean
/// and German have their own; anything else, or nothing detected, falls back to
/// English.
pub open spec fn locale_for(code: Option<Seq<char>>) -> Seq<char> {
    match code {
        Some(c) => if c == "cmn"@ {
            "zh"@
        } else if c == "eng"@ {
            "en"@
        } else if c == "jpn"@ {
            "ja"@
        } else if c == "kor"@ {
            "ko"@
        } else if c == "deu"@ {
            "de"@
        } else {
            "en"@
        },
        None => "en"@,
    }
}

/// Picks the collation locale tag from the language detected in `text`.
pub fn detect_locale_from_text(text: &str) -> (tag: String)
    ensures
        tag@ == locale_for(detected_language(text@)),
{
    let tag: &str = match detect_language(text) {
        Some(code) => {
            let c = code.as_str();
            if crate::text::str_eq(c, "cmn") {
                "zh"
            } else if crate::text::str_eq(c, "eng") {
                "en"
            } else if crate::text::str_eq(c, "jpn") {
                "ja"
            } else if crate::text::str_eq(c, "kor") {
                "ko"
            } else if crate::text::str_eq(c, "deu") {
                "de"
            } else {
                "en"
            }
        },
        None => "en",
    };
    tag.to_owned()
}

/// How ICU4X orders `a` before, with or after `b` under the collation of the
/// locale tagged `locale` (the root locale where the tag does not parse); `None`
/// where no collator can be built for it.
pub uninterp spec fn icu_collation(locale: Seq<char>, a: Seq<char>, b: Seq<char>) -> Option<Ordering>;

/// `icu::locid::Locale::from_str(locale)` (the default locale where it does not
/// parse), `icu::collator::Collator::try_new` with default options and
/// `Collator::compare(a, b)`. The three calls stand together because the
/// collator they build is opaque to verified code; the outcome is the named one.
#[verifier::external_body]
fn collate(locale: &str, a: &str, b: &str) -> (r: Option<Ordering>)
    ensures
        r == icu_collation(locale@, a@, b@),
{
    let loc: icu::locid::Locale = locale.parse().unwrap_or_default();
    let collator = icu::collator::Collator::try_new(&loc.into(), icu::collator::CollatorOptions::new()).ok()?;
    Some(collator.compare(a, b))
}

/// The collation order of `a` and `b` in the locale of the language detected in `a`.
pub open spec fn collation_of(a: Seq<char>, b: Seq<char>) -> Option<Ordering> {
    icu_collation(locale_for(detected_language(a)), a, b)
}

/// Compares `a` with `b` by the collation rules of the language detected in `a`,
/// or `None` where no collator is available for it.
pub fn try_compare(a: &str, b: &str) -> (r: Option<Ordering>)
    ensures
        r == collation_of(a@, b@),
{
    let tag = detect_locale_from_text(a);
    match collate(tag.as_str(), a, b) {
        None => None,
        Some(_) => Some(compare(a, b)),
    }
}

/// Compares `a` with `b` by the collation rules of the language detected in `a`;
/// a collator must be available for that language.
pub fn compare(a: &str, b: &str) -> (r: Ordering)
    requires
        collation_of(a@, b@) is Some,
    ensures
        Some(r) == collation_of(a@, b@),
{
    let tag = detect_locale_from_text(a);
    match collate(tag.as_str(), a, b) {
        Some(o) => o,
        None => Ordering::Equal,
    }
}

/// Decodes `raw` in the WHATWG encoding labelled `encoding`, skipping malformed
/// input.
pub fn decode(encoding: &str, raw: &[u8]) -> (r: Result<String, DecodeFailure>)
    ensures
        (r matches Err(DecodeFailure::UnknownLabel)) <==> !crate::text::whatwg_label_known(encoding@),
        r matches Ok(t) ==> crate::text::whatwg_decoded_lossy(encoding@, raw@) == Some(t@),
        (r matches Err(DecodeFailure::Malformed)) ==> crate::text::whatwg_decoded_lossy(encoding@, raw@) is None,
{
    whatwg_decode(encoding, raw)
}

} // verus!
